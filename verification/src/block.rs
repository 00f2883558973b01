//! Blocks: an ordered sequence of transactions, linked to a predecessor,
//! under the identifier derived from both.

use vstd::prelude::*;
use crate::codec::{
    dec_bytes, dec_opt, dec_u64, enc_bytes, enc_opt, enc_u64, lemma_dec_enc_bytes,
    lemma_dec_enc_opt, lemma_dec_enc_u64, lemma_enc_dec_bytes, lemma_enc_dec_opt,
    lemma_enc_dec_u64, opt_bytes, opt_seq, put_bytes, put_opt, put_u64, take_bytes, take_opt,
    take_u64,
};
use crate::digest::{hash, keccak256, Keccak256, DIGEST_LEN};
use crate::error::LedgerError;
use crate::transaction::{
    dec_transaction, enc_transaction, lemma_dec_enc_transaction, lemma_enc_dec_transaction,
    lemma_transaction_encodable, tx_views, Transaction, TransactionView,
};

verus! {

/// A block as a mathematical value.
pub struct BlockView {
    pub id: Seq<u8>,
    pub transactions: Seq<TransactionView>,
    pub prev_block_id: Option<Seq<u8>>,
}

/// Encodings of the transactions, one after the other.
pub open spec fn enc_transactions(transactions: Seq<TransactionView>) -> Seq<u8>
    decreases transactions.len(),
{
    if transactions.len() == 0 {
        Seq::empty()
    } else {
        enc_transaction(transactions.first()) + enc_transactions(transactions.drop_first())
    }
}

/// The bytes a block's identifier is derived from: the number of
/// transactions, the transactions, then the optional predecessor.
pub open spec fn enc_block_body(
    transactions: Seq<TransactionView>,
    prev_block_id: Option<Seq<u8>>,
) -> Seq<u8> {
    enc_u64(transactions.len() as u64) + enc_transactions(transactions) + enc_opt(prev_block_id)
}

/// The identifier of the block with these transactions and this predecessor.
pub open spec fn block_id(
    transactions: Seq<TransactionView>,
    prev_block_id: Option<Seq<u8>>,
) -> Seq<u8> {
    keccak256(enc_block_body(transactions, prev_block_id))
}

/// Encoding of a whole block: identifier, then what the identifier is
/// derived from.
pub open spec fn enc_block(b: BlockView) -> Seq<u8> {
    enc_bytes(b.id) + enc_block_body(b.transactions, b.prev_block_id)
}

/// Every transaction, and the predecessor, can be encoded.
pub open spec fn body_encodable(
    transactions: Seq<TransactionView>,
    prev_block_id: Option<Seq<u8>>,
) -> bool {
    &&& transactions.len() <= u64::MAX
    &&& forall|i: int| 0 <= i < transactions.len() ==> (#[trigger] transactions[i]).encodable()
    &&& prev_block_id matches Some(p) ==> p.len() <= u64::MAX
}

/// Every transaction carries the identifier derived from its sender and
/// nonce.
pub open spec fn all_intact(transactions: Seq<TransactionView>) -> bool {
    forall|i: int| 0 <= i < transactions.len() ==> (#[trigger] transactions[i]).intact()
}

impl BlockView {
    /// The block can be encoded.
    pub open spec fn encodable(self) -> bool {
        self.id.len() <= u64::MAX && body_encodable(self.transactions, self.prev_block_id)
    }

    /// The identifier is the one derived from transactions and predecessor.
    pub open spec fn intact(self) -> bool {
        self.id == block_id(self.transactions, self.prev_block_id)
    }

    /// What holds of every block: it is intact, its identifier is a digest,
    /// and it can be encoded.
    pub open spec fn wf(self) -> bool {
        &&& self.intact()
        &&& self.id.len() == DIGEST_LEN
        &&& self.encodable()
    }
}

/// Reads `n` transactions from the front of `s`.
pub open spec fn dec_transactions(s: Seq<u8>, n: nat) -> Option<(Seq<TransactionView>, Seq<u8>)>
    decreases n,
{
    if n == 0 {
        Some((Seq::empty(), s))
    } else {
        match dec_transaction(s) {
            Some((t, rest)) => match dec_transactions(rest, (n - 1) as nat) {
                Some((ts, rest)) => Some((seq![t] + ts, rest)),
                None => None,
            },
            None => None,
        }
    }
}

/// Reads transactions and predecessor from the front of `s`.
pub open spec fn dec_block_body(s: Seq<u8>) -> Option<
    ((Seq<TransactionView>, Option<Seq<u8>>), Seq<u8>),
> {
    match dec_u64(s) {
        Some((n, rest)) => match dec_transactions(rest, n as nat) {
            Some((ts, rest)) => match dec_opt(rest) {
                Some((prev, rest)) => Some(((ts, prev), rest)),
                None => None,
            },
            None => None,
        },
        None => None,
    }
}

/// Reads a whole block from the front of `s`.
pub open spec fn dec_block(s: Seq<u8>) -> Option<(BlockView, Seq<u8>)> {
    match dec_bytes(s) {
        Some((id, rest)) => match dec_block_body(rest) {
            Some(((transactions, prev_block_id), rest)) => Some(
                (BlockView { id, transactions, prev_block_id }, rest),
            ),
            None => None,
        },
        None => None,
    }
}

/// What decoding transactions and predecessor from exactly `data` gives.
pub open spec fn block_body_decoding(data: Seq<u8>) -> Result<
    (Seq<TransactionView>, Option<Seq<u8>>),
    LedgerError,
> {
    match dec_block_body(data) {
        Some((body, rest)) => if rest.len() != 0 {
            Err(LedgerError::DecodeError)
        } else if !all_intact(body.0) {
            Err(LedgerError::CorruptedTransaction)
        } else {
            Ok(body)
        },
        None => Err(LedgerError::DecodeError),
    }
}

/// What decoding a whole block from exactly `data` gives.
pub open spec fn block_decoding(data: Seq<u8>) -> Result<BlockView, LedgerError> {
    match dec_block(data) {
        Some((b, rest)) => if rest.len() != 0 {
            Err(LedgerError::DecodeError)
        } else if !all_intact(b.transactions) {
            Err(LedgerError::CorruptedTransaction)
        } else if !b.intact() {
            Err(LedgerError::CorruptedBlock)
        } else {
            Ok(b)
        },
        None => Err(LedgerError::DecodeError),
    }
}

/// The encoding of a sequence with one more transaction at its end.
pub proof fn lemma_enc_transactions_push(transactions: Seq<TransactionView>, t: TransactionView)
    ensures
        enc_transactions(transactions.push(t)) == enc_transactions(transactions) + enc_transaction(
            t,
        ),
    decreases transactions.len(),
{
    let longer = transactions.push(t);
    if transactions.len() == 0 {
        assert(enc_transactions(longer.drop_first()) =~= Seq::<u8>::empty());
    } else {
        assert(longer.drop_first() =~= transactions.drop_first().push(t));
        lemma_enc_transactions_push(transactions.drop_first(), t);
        assert(enc_transactions(longer) =~= enc_transaction(transactions.first()) + (
        enc_transactions(transactions.drop_first()) + enc_transaction(t)));
    }
}

/// Reading encoded transactions gives them back.
pub proof fn lemma_dec_enc_transactions(transactions: Seq<TransactionView>, rest: Seq<u8>)
    requires
        forall|i: int| 0 <= i < transactions.len() ==> (#[trigger] transactions[i]).encodable(),
    ensures
        dec_transactions(enc_transactions(transactions) + rest, transactions.len()) == Some(
            (transactions, rest),
        ),
    decreases transactions.len(),
{
    if transactions.len() > 0 {
        let t = transactions.first();
        let tail = transactions.drop_first();
        assert(enc_transactions(transactions) + rest =~= enc_transaction(t) + (enc_transactions(
            tail,
        ) + rest));
        lemma_dec_enc_transaction(t, enc_transactions(tail) + rest);
        lemma_dec_enc_transactions(tail, rest);
    }
}

/// Whatever `n` transactions were read from is their encoding followed by
/// the rest.
pub proof fn lemma_enc_dec_transactions(s: Seq<u8>, n: nat)
    requires
        dec_transactions(s, n) is Some,
    ensures
        dec_transactions(s, n).unwrap().0.len() == n,
        forall|i: int|
            0 <= i < n ==> (#[trigger] dec_transactions(s, n).unwrap().0[i]).encodable(),
        s == enc_transactions(dec_transactions(s, n).unwrap().0) + dec_transactions(
            s,
            n,
        ).unwrap().1,
    decreases n,
{
    if n > 0 {
        lemma_enc_dec_transaction(s);
        let (t, rest) = dec_transaction(s).unwrap();
        lemma_enc_dec_transactions(rest, (n - 1) as nat);
        let ts = dec_transactions(rest, (n - 1) as nat).unwrap().0;
        assert((seq![t] + ts).drop_first() =~= ts);
    }
}

/// Reading encoded transactions and predecessor gives them back.
pub proof fn lemma_dec_enc_block_body(
    transactions: Seq<TransactionView>,
    prev_block_id: Option<Seq<u8>>,
    rest: Seq<u8>,
)
    requires
        body_encodable(transactions, prev_block_id),
    ensures
        dec_block_body(enc_block_body(transactions, prev_block_id) + rest) == Some(
            ((transactions, prev_block_id), rest),
        ),
{
    let n = transactions.len() as u64;
    let after_count = enc_transactions(transactions) + (enc_opt(prev_block_id) + rest);
    assert(enc_block_body(transactions, prev_block_id) + rest =~= enc_u64(n) + after_count);
    lemma_dec_enc_u64(n, after_count);
    lemma_dec_enc_transactions(transactions, enc_opt(prev_block_id) + rest);
    lemma_dec_enc_opt(prev_block_id, rest);
}

/// Whatever transactions and predecessor were read from is their encoding
/// followed by the rest.
pub proof fn lemma_enc_dec_block_body(s: Seq<u8>)
    requires
        dec_block_body(s) is Some,
    ensures
        body_encodable(dec_block_body(s).unwrap().0.0, dec_block_body(s).unwrap().0.1),
        s == enc_block_body(dec_block_body(s).unwrap().0.0, dec_block_body(s).unwrap().0.1)
            + dec_block_body(s).unwrap().1,
{
    lemma_enc_dec_u64(s);
    let (n, rest) = dec_u64(s).unwrap();
    lemma_enc_dec_transactions(rest, n as nat);
    lemma_enc_dec_opt(dec_transactions(rest, n as nat).unwrap().1);
}

/// Reading an encoded block gives it back.
pub proof fn lemma_dec_enc_block(b: BlockView, rest: Seq<u8>)
    requires
        b.encodable(),
    ensures
        dec_block(enc_block(b) + rest) == Some((b, rest)),
{
    let body = enc_block_body(b.transactions, b.prev_block_id);
    assert(enc_block(b) + rest =~= enc_bytes(b.id) + (body + rest));
    lemma_dec_enc_bytes(b.id, body + rest);
    lemma_dec_enc_block_body(b.transactions, b.prev_block_id, rest);
}

/// Whatever a block was read from is its encoding followed by the rest.
pub proof fn lemma_enc_dec_block(s: Seq<u8>)
    requires
        dec_block(s) is Some,
    ensures
        dec_block(s).unwrap().0.encodable(),
        s == enc_block(dec_block(s).unwrap().0) + dec_block(s).unwrap().1,
{
    lemma_enc_dec_bytes(s);
    let (id, rest) = dec_bytes(s).unwrap();
    lemma_enc_dec_block_body(rest);
    let ((transactions, prev_block_id), rest2) = dec_block_body(rest).unwrap();
    assert(s =~= enc_bytes(id) + enc_block_body(transactions, prev_block_id) + rest2);
}

/// Different transactions or predecessors have different encodings.
pub proof fn lemma_enc_block_body_injective(
    transactions_a: Seq<TransactionView>,
    prev_a: Option<Seq<u8>>,
    transactions_b: Seq<TransactionView>,
    prev_b: Option<Seq<u8>>,
)
    requires
        body_encodable(transactions_a, prev_a),
        body_encodable(transactions_b, prev_b),
        enc_block_body(transactions_a, prev_a) == enc_block_body(transactions_b, prev_b),
    ensures
        transactions_a == transactions_b,
        prev_a == prev_b,
{
    lemma_dec_enc_block_body(transactions_a, prev_a, Seq::empty());
    lemma_dec_enc_block_body(transactions_b, prev_b, Seq::empty());
}

/// Different blocks have different encodings.
pub proof fn lemma_enc_block_injective(a: BlockView, b: BlockView)
    requires
        a.encodable(),
        b.encodable(),
        enc_block(a) == enc_block(b),
    ensures
        a == b,
{
    lemma_dec_enc_block(a, Seq::empty());
    lemma_dec_enc_block(b, Seq::empty());
}

/// Decoding the encoding of intact transactions and a predecessor gives
/// them back.
pub proof fn lemma_block_body_roundtrip(
    transactions: Seq<TransactionView>,
    prev_block_id: Option<Seq<u8>>,
)
    requires
        body_encodable(transactions, prev_block_id),
        all_intact(transactions),
    ensures
        block_body_decoding(enc_block_body(transactions, prev_block_id)) == Ok::<
            (Seq<TransactionView>, Option<Seq<u8>>),
            LedgerError,
        >((transactions, prev_block_id)),
{
    lemma_dec_enc_block_body(transactions, prev_block_id, Seq::empty());
}

/// Bytes decode to transactions and a predecessor exactly when they are
/// the encoding of these and every transaction is intact.
pub proof fn lemma_block_body_decoding_exact(
    data: Seq<u8>,
    transactions: Seq<TransactionView>,
    prev_block_id: Option<Seq<u8>>,
)
    ensures
        block_body_decoding(data) == Ok::<(Seq<TransactionView>, Option<Seq<u8>>), LedgerError>(
            (transactions, prev_block_id),
        ) <==> (body_encodable(transactions, prev_block_id) && all_intact(transactions) && data
            == enc_block_body(transactions, prev_block_id)),
        (body_encodable(transactions, prev_block_id) && !all_intact(transactions) && data
            == enc_block_body(transactions, prev_block_id)) ==> block_body_decoding(data) == Err::<
            (Seq<TransactionView>, Option<Seq<u8>>),
            LedgerError,
        >(LedgerError::CorruptedTransaction),
{
    if body_encodable(transactions, prev_block_id) && data == enc_block_body(
        transactions,
        prev_block_id,
    ) {
        lemma_dec_enc_block_body(transactions, prev_block_id, Seq::empty());
    }
    if dec_block_body(data) is Some {
        lemma_enc_dec_block_body(data);
    }
}

/// Decoding the encoding of an intact block of intact transactions gives
/// it back.
pub proof fn lemma_block_roundtrip(b: BlockView)
    requires
        b.encodable(),
        b.intact(),
        all_intact(b.transactions),
    ensures
        block_decoding(enc_block(b)) == Ok::<BlockView, LedgerError>(b),
{
    lemma_dec_enc_block(b, Seq::empty());
}

/// Bytes decode to a block exactly when they are the encoding of that
/// block, it is intact and so is every transaction in it. The encoding of a
/// block with a transaction that is not intact is refused as a corrupted
/// transaction; that of a block of intact transactions that is itself not
/// intact, as a corrupted block.
pub proof fn lemma_block_decoding_exact(data: Seq<u8>, b: BlockView)
    ensures
        block_decoding(data) == Ok::<BlockView, LedgerError>(b) <==> (b.encodable() && b.intact()
            && all_intact(b.transactions) && data == enc_block(b)),
        (b.encodable() && !all_intact(b.transactions) && data == enc_block(b))
            ==> block_decoding(data) == Err::<BlockView, LedgerError>(
            LedgerError::CorruptedTransaction,
        ),
        (b.encodable() && all_intact(b.transactions) && !b.intact() && data == enc_block(b))
            ==> block_decoding(data) == Err::<BlockView, LedgerError>(LedgerError::CorruptedBlock),
{
    if b.encodable() && data == enc_block(b) {
        lemma_dec_enc_block(b, Seq::empty());
    }
    if dec_block(data) is Some {
        lemma_enc_dec_block(data);
    }
}

/// Transactions and a predecessor held in memory can be encoded.
pub proof fn lemma_body_encodable(transactions: Vec<Transaction>, prev_block_id: Option<Keccak256>)
    ensures
        body_encodable(tx_views(transactions@), opt_seq(prev_block_id)),
{
    assert(transactions@.len() == transactions.len());
    assert forall|i: int| 0 <= i < transactions@.len() implies (#[trigger] tx_views(
        transactions@,
    )[i]).encodable() by {
        lemma_transaction_encodable(transactions@[i]);
    }
    if let Some(p) = prev_block_id {
        assert(p@.len() == p.len());
    }
}

/// Transactions and an optional reference to a predecessor held in memory
/// can be encoded.
proof fn lemma_slice_encodable(transactions: Vec<Transaction>, prev_block_id: Option<&Keccak256>)
    ensures
        body_encodable(tx_views(transactions@), opt_bytes(prev_block_id)),
{
    assert(transactions@.len() == transactions.len());
    assert forall|i: int| 0 <= i < transactions@.len() implies (#[trigger] tx_views(
        transactions@,
    )[i]).encodable() by {
        lemma_transaction_encodable(transactions@[i]);
    }
    if let Some(p) = prev_block_id {
        assert(p@.len() == p.len());
    }
}

/// A Block that contains multiple Transactions.
#[derive(Debug, PartialEq, Eq)]
pub struct Block {
    id: Keccak256,
    transactions: Vec<Transaction>,
    prev_block_id: Option<Keccak256>,
}

impl View for Block {
    type V = BlockView;

    closed spec fn view(&self) -> BlockView {
        BlockView {
            id: self.id@,
            transactions: tx_views(self.transactions@),
            prev_block_id: opt_seq(self.prev_block_id),
        }
    }
}

impl Clone for Block {
    fn clone(&self) -> (copy: Self)
        ensures
            copy@ == self@,
    {
        let transactions = self.transactions.clone();
        let prev_block_id = match &self.prev_block_id {
            Some(p) => Some(p.clone()),
            None => None,
        };
        assert(tx_views(transactions@) =~= tx_views(self.transactions@));
        Block { id: self.id.clone(), transactions, prev_block_id }
    }
}

/// Appends the encodings of the transactions, one after the other, to `out`.
fn write_transactions(out: &mut Vec<u8>, transactions: &Vec<Transaction>)
    ensures
        final(out)@ == old(out)@ + enc_transactions(tx_views(transactions@)),
{
    let ghost before = out@;
    let ghost views = tx_views(transactions@);
    let mut i: usize = 0;
    while i < transactions.len()
        invariant
            i <= transactions.len(),
            views == tx_views(transactions@),
            out@ == before + enc_transactions(views.take(i as int)),
        decreases transactions.len() - i,
    {
        transactions[i].write(out);
        proof {
            assert(views.take(i + 1) =~= views.take(i as int).push(views[i as int]));
            lemma_enc_transactions_push(views.take(i as int), views[i as int]);
        }
        i += 1;
    }
    assert(views.take(transactions.len() as int) =~= views);
}

/// Whether every transaction carries the identifier derived from its sender
/// and nonce.
fn check_intact(transactions: &Vec<Transaction>) -> (intact: bool)
    ensures
        intact == all_intact(tx_views(transactions@)),
{
    let mut i: usize = 0;
    while i < transactions.len()
        invariant
            i <= transactions.len(),
            forall|j: int| 0 <= j < i ==> (#[trigger] tx_views(transactions@)[j]).intact(),
        decreases transactions.len() - i,
    {
        if !transactions[i].is_intact() {
            assert(!tx_views(transactions@)[i as int].intact());
            return false;
        }
        i += 1;
    }
    true
}

/// Reads transactions and predecessor at `pos`, without checking any
/// identifier; gives them and the position after them.
fn read_body(data: &Vec<u8>, pos: usize) -> (r: Option<
    ((Vec<Transaction>, Option<Keccak256>), usize),
>)
    requires
        pos <= data.len(),
    ensures
        match r {
            Some(((transactions, prev_block_id), next)) => pos <= next <= data.len()
                && dec_block_body(data@.skip(pos as int)) == Some(
                ((tx_views(transactions@), opt_seq(prev_block_id)), data@.skip(next as int)),
            ),
            None => dec_block_body(data@.skip(pos as int)) is None,
        },
{
    let (n, start) = match take_u64(data, pos) {
        Some(p) => p,
        None => { return None; },
    };
    let mut transactions: Vec<Transaction> = Vec::new();
    let mut at: usize = start;
    let mut i: u64 = 0;
    let ghost whole = dec_transactions(data@.skip(start as int), n as nat);
    while i < n
        invariant
            i <= n,
            transactions@.len() == i,
            start <= at <= data.len(),
            dec_u64(data@.skip(pos as int)) == Some((n, data@.skip(start as int))),
            whole == dec_transactions(data@.skip(start as int), n as nat),
            whole == match dec_transactions(data@.skip(at as int), (n - i) as nat) {
                Some((ts, rest)) => Some((tx_views(transactions@) + ts, rest)),
                None => None,
            },
        decreases n - i,
    {
        let (tx, next) = match Transaction::read(data, at) {
            Some(p) => p,
            None => { return None; },
        };
        transactions.push(tx);
        at = next;
        i += 1;
    }
    match take_opt(data, at) {
        Some((prev_block_id, next)) => Some(((transactions, prev_block_id), next)),
        None => None,
    }
}

impl Block {
    /// Creates a new Block.
    pub fn new(transactions: Vec<Transaction>, prev_block_id: Option<Keccak256>) -> (block: Self)
        ensures
            block@.transactions == tx_views(transactions@),
            block@.prev_block_id == opt_seq(prev_block_id),
            block@.id == block_id(tx_views(transactions@), opt_seq(prev_block_id)),
            block@.wf(),
    {
        let id = Block::generate_id(&transactions, prev_block_id.as_ref());
        proof {
            lemma_body_encodable(transactions, prev_block_id);
        }
        Block { id, transactions, prev_block_id }
    }

    /// Returns a reference to the previous Block id.
    pub fn get_previous_block_id(&self) -> (prev: Option<&Keccak256>)
        ensures
            opt_bytes(prev) == self@.prev_block_id,
    {
        self.prev_block_id.as_ref()
    }

    /// Sets the previous Block id and updates the Blocks id.
    pub fn set_previous_block_id(&mut self, prev_block_id: Option<Keccak256>)
        ensures
            final(self)@.transactions == old(self)@.transactions,
            final(self)@.prev_block_id == opt_seq(prev_block_id),
            final(self)@.id == block_id(old(self)@.transactions, opt_seq(prev_block_id)),
            final(self)@.wf(),
    {
        proof {
            lemma_body_encodable(self.transactions, prev_block_id);
        }
        self.id = Block::generate_id(&self.transactions, prev_block_id.as_ref());
        self.prev_block_id = prev_block_id;
    }

    /// Generates a unique Block id.
    pub fn generate_id(transactions: &Vec<Transaction>, prev_block_id: Option<&Keccak256>) -> (id:
        Keccak256)
        ensures
            id@ == block_id(tx_views(transactions@), opt_bytes(prev_block_id)),
            id@.len() == DIGEST_LEN,
    {
        let serialized = Block::serialize(transactions, prev_block_id);
        hash(&serialized)
    }

    /// Serializes the Block data into a binary representation.
    pub fn serialize(transactions: &Vec<Transaction>, prev_block_id: Option<&Keccak256>) -> (bytes:
        Vec<u8>)
        ensures
            bytes@ == enc_block_body(tx_views(transactions@), opt_bytes(prev_block_id)),
            body_encodable(tx_views(transactions@), opt_bytes(prev_block_id)),
    {
        let mut bytes: Vec<u8> = Vec::new();
        put_u64(&mut bytes, transactions.len() as u64);
        write_transactions(&mut bytes, transactions);
        put_opt(&mut bytes, prev_block_id);
        proof {
            lemma_slice_encodable(*transactions, prev_block_id);
        }
        bytes
    }

    /// Deserializes a Blocks binary representation.
    pub fn deserialize(data: Vec<u8>) -> (r: Result<Block, LedgerError>)
        ensures
            match r {
                Ok(block) => block@.wf() && all_intact(block@.transactions) && block_body_decoding(
                    data@,
                ) == Ok::<(Seq<TransactionView>, Option<Seq<u8>>), LedgerError>(
                    (block@.transactions, block@.prev_block_id),
                ) && data@ == enc_block_body(block@.transactions, block@.prev_block_id),
                Err(e) => block_body_decoding(data@) == Err::<
                    (Seq<TransactionView>, Option<Seq<u8>>),
                    LedgerError,
                >(e),
            },
            forall|transactions: Seq<TransactionView>, prev_block_id: Option<Seq<u8>>|
                body_encodable(transactions, prev_block_id) && all_intact(transactions) && data@
                    == #[trigger] enc_block_body(transactions, prev_block_id) ==> (r matches Ok(
                    block,
                ) && block@.transactions == transactions && block@.prev_block_id == prev_block_id),
    {
        proof {
            assert forall|transactions: Seq<TransactionView>, prev_block_id: Option<Seq<u8>>|
                body_encodable(transactions, prev_block_id) && all_intact(transactions) && data@
                    == #[trigger] enc_block_body(
                    transactions,
                    prev_block_id,
                ) implies block_body_decoding(data@) == Ok::<
                (Seq<TransactionView>, Option<Seq<u8>>),
                LedgerError,
            >((transactions, prev_block_id)) by {
                lemma_block_body_roundtrip(transactions, prev_block_id);
            }
        }
        proof {
            assert(data@.skip(0) =~= data@);
        }
        let ((transactions, prev_block_id), end) = match read_body(&data, 0) {
            Some(p) => p,
            None => { return Err(LedgerError::DecodeError); },
        };
        if end != data.len() {
            return Err(LedgerError::DecodeError);
        }
        if !check_intact(&transactions) {
            return Err(LedgerError::CorruptedTransaction);
        }
        proof {
            lemma_block_body_decoding_exact(
                data@,
                tx_views(transactions@),
                opt_seq(prev_block_id),
            );
        }
        Ok(Block::new(transactions, prev_block_id))
    }

    /// Encodes the whole Block: identifier, transactions, predecessor.
    pub fn encode(&self) -> (bytes: Vec<u8>)
        ensures
            bytes@ == enc_block(self@),
            self@.encodable(),
    {
        let mut bytes: Vec<u8> = Vec::new();
        put_bytes(&mut bytes, &self.id);
        put_u64(&mut bytes, self.transactions.len() as u64);
        write_transactions(&mut bytes, &self.transactions);
        put_opt(&mut bytes, self.prev_block_id.as_ref());
        proof {
            lemma_body_encodable(self.transactions, self.prev_block_id);
            assert(self.id@.len() == self.id.len());
        }
        bytes
    }

    /// Decodes a whole Block and checks that every Transaction, and then the
    /// Block itself, carries the identifier derived from its contents.
    pub fn decode(data: &Vec<u8>) -> (r: Result<Block, LedgerError>)
        ensures
            match r {
                Ok(block) => block@.wf() && all_intact(block@.transactions) && block_decoding(data@)
                    == Ok::<BlockView, LedgerError>(block@) && data@ == enc_block(block@),
                Err(e) => block_decoding(data@) == Err::<BlockView, LedgerError>(e),
            },
            forall|b: BlockView|
                b.encodable() && b.intact() && all_intact(b.transactions) && data@
                    == #[trigger] enc_block(b) ==> (r matches Ok(block) && block@ == b),
    {
        proof {
            assert forall|b: BlockView|
                b.encodable() && b.intact() && all_intact(b.transactions) && data@
                    == #[trigger] enc_block(b) implies block_decoding(data@) == Ok::<
                BlockView,
                LedgerError,
            >(b) by {
                lemma_block_roundtrip(b);
            }
        }
        proof {
            assert(data@.skip(0) =~= data@);
        }
        let (id, pos) = match take_bytes(data, 0) {
            Some(p) => p,
            None => { return Err(LedgerError::DecodeError); },
        };
        let ((transactions, prev_block_id), end) = match read_body(data, pos) {
            Some(p) => p,
            None => { return Err(LedgerError::DecodeError); },
        };
        if end != data.len() {
            return Err(LedgerError::DecodeError);
        }
        if !check_intact(&transactions) {
            return Err(LedgerError::CorruptedTransaction);
        }
        let expected = Block::generate_id(&transactions, prev_block_id.as_ref());
        let same = id == expected;
        assert(same == (id@ =~= expected@));
        if !same {
            return Err(LedgerError::CorruptedBlock);
        }
        let block = Block { id, transactions, prev_block_id };
        proof {
            lemma_block_decoding_exact(data@, block@);
        }
        Ok(block)
    }

    /// The identifier.
    pub fn id(&self) -> (id: &Keccak256)
        ensures
            id@ == self@.id,
    {
        &self.id
    }

    /// The transactions, in their order.
    pub fn transactions(&self) -> (transactions: &Vec<Transaction>)
        ensures
            tx_views(transactions@) == self@.transactions,
    {
        &self.transactions
    }
}

} // verus!
