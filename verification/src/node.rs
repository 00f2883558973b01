//! The node: a chain, the pool of pending transactions, and the nonce of
//! the transactions that the node itself creates.

use vstd::prelude::*;
use rand::seq::SliceRandom;
use crate::block::{Block, BlockView};
use crate::chain::{linked, relinked, tip, Chain};
use crate::codec::{enc_bytes, enc_opt, put_bytes, put_opt};
use crate::digest::{hash, keccak256, Keccak256, DIGEST_LEN};
use crate::mempool::{
    ascending, in_index_order, index_set, lemma_in_index_order, lemma_slot_lookup, to_map,
    transactions_of, Mempool, Slot,
};
use crate::transaction::{transaction_id, tx_views, Transaction, TransactionView};

verus! {

/// A node as a mathematical value.
pub struct NodeView {
    pub chain: Seq<BlockView>,
    pub pool: Map<Seq<u8>, TransactionView>,
    pub nonce: u64,
}

/// The bytes an index is derived from: the identifier of the transaction,
/// then the optional identifier of the tip.
pub open spec fn enc_index_key(id: Seq<u8>, tip: Option<Seq<u8>>) -> Seq<u8> {
    enc_bytes(id) + enc_opt(tip)
}

/// The index under which the pool holds the transaction with identifier
/// `id` while the chain ends in `tip`.
pub open spec fn transaction_index(id: Seq<u8>, tip: Option<Seq<u8>>) -> Seq<u8> {
    keccak256(enc_index_key(id, tip))
}

/// Every transaction of the pool stands under the index that binds it to
/// `tip`.
pub open spec fn bound_to(pool: Map<Seq<u8>, TransactionView>, tip: Option<Seq<u8>>) -> bool {
    forall|k: Seq<u8>| #[trigger] pool.contains_key(k) ==> k == transaction_index(pool[k].id, tip)
}

/// The pool after `t` was added while the chain ended in `tip`.
pub open spec fn with_transaction(
    pool: Map<Seq<u8>, TransactionView>,
    t: TransactionView,
    tip: Option<Seq<u8>>,
) -> Map<Seq<u8>, TransactionView> {
    pool.insert(transaction_index(t.id, tip), t)
}

/// The pool after the transactions were added, first to last, while the
/// chain ended in `tip`.
pub open spec fn with_transactions(
    pool: Map<Seq<u8>, TransactionView>,
    transactions: Seq<TransactionView>,
    tip: Option<Seq<u8>>,
) -> Map<Seq<u8>, TransactionView>
    decreases transactions.len(),
{
    if transactions.len() == 0 {
        pool
    } else {
        with_transaction(
            with_transactions(pool, transactions.drop_last(), tip),
            transactions.last(),
            tip,
        )
    }
}

/// The indexes of the transactions while the chain ends in `tip`.
pub open spec fn indexes_of(transactions: Seq<TransactionView>, tip: Option<Seq<u8>>) -> Set<
    Seq<u8>,
> {
    Set::new(
        |k: Seq<u8>|
            exists|i: int|
                0 <= i < transactions.len() && transaction_index(
                    (#[trigger] transactions[i]).id,
                    tip,
                ) == k,
    )
}

/// The pool with every transaction moved to the index that binds it to
/// `tip`; the transactions move in the order of their old indexes.
pub open spec fn rebound(pool: Map<Seq<u8>, TransactionView>, tip: Option<Seq<u8>>) -> Map<
    Seq<u8>,
    TransactionView,
> {
    with_transactions(Map::empty(), transactions_of(in_index_order(pool)), tip)
}

/// The node after it created a transaction for `sender`.
pub open spec fn created(node: NodeView, sender: Seq<u8>) -> NodeView {
    let t = TransactionView {
        id: transaction_id(sender, node.nonce),
        sender: sender,
        nonce: node.nonce,
    };
    NodeView {
        chain: node.chain,
        pool: with_transaction(node.pool, t, tip(node.chain)),
        nonce: (node.nonce + 1) as u64,
    }
}

/// The node after it finalized `block`: the block stands on the chain,
/// linked to the old tip; its transactions have left the pool; what is
/// left of the pool is bound to the new tip.
pub open spec fn finalized(node: NodeView, block: BlockView) -> NodeView {
    let placed = relinked(block, tip(node.chain));
    let gone = indexes_of(block.transactions, tip(node.chain));
    NodeView {
        chain: node.chain.push(placed),
        pool: rebound(node.pool.remove_keys(gone), Some(placed.id)),
        nonce: node.nonce,
    }
}

/// The bytes 1 to 99 in ascending order.
pub open spec fn numbers() -> Seq<u8> {
    Seq::new(99, |i: int| (i + 1) as u8)
}

/// Adding transactions to a pool bound to `tip` leaves it bound to `tip`.
pub proof fn lemma_with_transactions_bound(
    pool: Map<Seq<u8>, TransactionView>,
    transactions: Seq<TransactionView>,
    tip: Option<Seq<u8>>,
)
    requires
        bound_to(pool, tip),
    ensures
        bound_to(with_transactions(pool, transactions, tip), tip),
    decreases transactions.len(),
{
    if transactions.len() > 0 {
        lemma_with_transactions_bound(pool, transactions.drop_last(), tip);
    }
}

/// The transactions of a pool bound to `tip` have, between them, every
/// index of the pool: taking their indexes out leaves nothing.
pub proof fn lemma_pool_covered(pool: Map<Seq<u8>, TransactionView>, tip: Option<Seq<u8>>)
    requires
        bound_to(pool, tip),
        exists|slots: Seq<Slot>| ascending(slots) && to_map(slots) == pool,
    ensures
        pool.remove_keys(indexes_of(transactions_of(in_index_order(pool)), tip)) == Map::<
            Seq<u8>,
            TransactionView,
        >::empty(),
{
    let slots = in_index_order(pool);
    let gone = indexes_of(transactions_of(slots), tip);
    assert forall|k: Seq<u8>| pool.contains_key(k) implies gone.contains(k) by {
        let i = choose|i: int| 0 <= i < slots.len() && (#[trigger] slots[i]).0 == k;
        lemma_slot_lookup(slots, i);
        assert(transactions_of(slots)[i] == pool[k]);
    }
}

/// An empty pool stays empty when it is rebound.
pub proof fn lemma_rebound_empty(tip: Option<Seq<u8>>)
    ensures
        rebound(Map::empty(), tip) == Map::<Seq<u8>, TransactionView>::empty(),
{
    let none = Seq::<Slot>::empty();
    assert(to_map(none) =~= Map::<Seq<u8>, TransactionView>::empty());
    lemma_in_index_order(none);
}

/// A rebound pool is bound to the tip it was rebound to.
pub proof fn lemma_rebound_bound(pool: Map<Seq<u8>, TransactionView>, tip: Option<Seq<u8>>)
    ensures
        bound_to(rebound(pool, tip), tip),
{
    lemma_with_transactions_bound(Map::empty(), transactions_of(in_index_order(pool)), tip);
}

/// Shuffles `numbers` in place with `rand`'s `SliceRandom::shuffle`, driven
/// by `rand::thread_rng`.
///
/// Trusted: the shuffle only swaps elements, so the vector holds the same
/// bytes as before, each as often as before. Which order comes out is not
/// stated. `thread_rng` panics if the operating system gives it no seed.
#[verifier::external_body]
fn shuffle(numbers: &mut Vec<u8>)
    ensures
        final(numbers)@.to_multiset() == old(numbers)@.to_multiset(),
{
    numbers.shuffle(&mut rand::thread_rng());
}

/// A Node that continuously proposes and finalizes Blocks.
pub struct Node {
    /// Blockchain.
    chain: Chain,
    /// Memory Pool which stores pending transactions.
    mempool: Mempool,
    /// Nonce used in Transactions to mitigate replay attacks.
    nonce: u64,
}

impl View for Node {
    type V = NodeView;

    closed spec fn view(&self) -> NodeView {
        NodeView { chain: self.chain@, pool: self.mempool@, nonce: self.nonce }
    }
}

impl Node {
    /// What holds of every node: chain and pool are well formed, and the
    /// pool is bound to the tip of the chain.
    pub closed spec fn wf(&self) -> bool {
        &&& self.chain.wf()
        &&& self.mempool.wf()
        &&& bound_to(self.mempool@, tip(self.chain@))
    }

    /// In a well-formed node the chain is linked, and every pending
    /// transaction stands under the index that binds it to the tip.
    pub proof fn lemma_wf(&self)
        requires
            self.wf(),
        ensures
            linked(self@.chain),
            forall|i: int| 0 <= i < self@.chain.len() ==> (#[trigger] self@.chain[i]).wf(),
            bound_to(self@.pool, tip(self@.chain)),
            self@.pool.dom().finite(),
    {
        self.mempool.lemma_slots_in_index_order();
    }

    /// Creates a new Node.
    pub fn new() -> (node: Self)
        ensures
            node.wf(),
            node@.chain == Seq::<BlockView>::empty(),
            node@.pool == Map::<Seq<u8>, TransactionView>::empty(),
            node@.nonce == 1,
    {
        let chain = Chain::new(1000);
        let mempool = Mempool::new();
        Node { chain, mempool, nonce: 1 }
    }

    /// Create a new Transaction initiated by the Node.
    pub fn create_transaction(&mut self)
        requires
            old(self).wf(),
            old(self)@.nonce < u64::MAX,
        ensures
            final(self).wf(),
            exists|shuffled: Seq<u8>|
                shuffled.to_multiset() == numbers().to_multiset() && final(self)@ == created(
                    old(self)@,
                    #[trigger] keccak256(shuffled),
                ),
    {
        let mut numbers: Vec<u8> = Vec::new();
        let mut n: u8 = 1;
        while n < 100
            invariant
                1 <= n <= 100,
                numbers@.len() == n - 1,
                forall|i: int| 0 <= i < numbers@.len() ==> numbers@[i] == i + 1,
            decreases 100 - n,
        {
            numbers.push(n);
            n += 1;
        }
        assert(numbers@ =~= self::numbers());
        shuffle(&mut numbers);
        let sender: Keccak256 = hash(&numbers);
        self.create_transaction_from(sender);
    }

    /// Create a new Transaction for the given sender: the Transaction gets
    /// the Node's nonce and enters the Mempool, and the nonce moves on.
    pub fn create_transaction_from(&mut self, sender: Vec<u8>)
        requires
            old(self).wf(),
            old(self)@.nonce < u64::MAX,
        ensures
            final(self).wf(),
            final(self)@ == created(old(self)@, sender@),
    {
        // Create a new Transaction.
        let tx = Transaction::new(sender, self.nonce);
        // Insert Transaction into Mempool.
        self.add_transaction(tx);
        // Increment nonce.
        self.nonce += 1;
    }

    /// Add a single Transaction into the Mempool.
    pub fn add_transaction(&mut self, transaction: Transaction)
        requires
            old(self).wf(),
        ensures
            final(self).wf(),
            final(self)@.chain == old(self)@.chain,
            final(self)@.nonce == old(self)@.nonce,
            final(self)@.pool == with_transaction(
                old(self)@.pool,
                transaction@,
                tip(old(self)@.chain),
            ),
            final(self)@.pool.dom().finite(),
    {
        let index = self.generate_transaction_index(&transaction);
        self.mempool.insert(index, transaction);
    }

    /// Add multiple Transactions into the Mempool.
    pub fn add_transactions(&mut self, transactions: Vec<Transaction>)
        requires
            old(self).wf(),
        ensures
            final(self).wf(),
            final(self)@.chain == old(self)@.chain,
            final(self)@.nonce == old(self)@.nonce,
            final(self)@.pool == with_transactions(
                old(self)@.pool,
                tx_views(transactions@),
                tip(old(self)@.chain),
            ),
            final(self)@.pool.dom().finite(),
            old(self)@.pool.len() <= final(self)@.pool.len() <= old(self)@.pool.len()
                + transactions@.len(),
            forall|i: int|
                0 <= i < transactions@.len() ==> final(self)@.pool.contains_key(
                    transaction_index((#[trigger] tx_views(transactions@)[i]).id, tip(
                        old(self)@.chain,
                    )),
                ),
    {
        proof {
            self.mempool.lemma_slots_in_index_order();
        }
        let ghost start = self@;
        let ghost views = tx_views(transactions@);
        for transaction in it: transactions
            invariant
                it.seq() == transactions@,
                views == tx_views(transactions@),
                self.wf(),
                self@.chain == start.chain,
                self@.nonce == start.nonce,
                self@.pool == with_transactions(
                    start.pool,
                    views.take(it.index() as int),
                    tip(start.chain),
                ),
                self@.pool.dom().finite(),
                start.pool.len() <= self@.pool.len() <= start.pool.len() + it.index(),
                forall|i: int|
                    0 <= i < it.index() ==> self@.pool.contains_key(
                        transaction_index((#[trigger] views[i]).id, tip(start.chain)),
                    ),
        {
            proof {
                let longer = views.take(it.index() + 1);
                assert(longer.drop_last() =~= views.take(it.index() as int));
            }
            self.add_transaction(transaction);
        }
        assert(views.take(transactions@.len() as int) =~= views);
    }

    /// Propose a new Block based on the Transactions in the Mempool.
    pub fn propose_block(&self) -> (proposal: Option<Block>)
        requires
            self.wf(),
        ensures
            self@.pool.len() == 0 ==> proposal is None,
            self@.pool.len() > 0 ==> (proposal matches Some(block) && block@.wf()
                && block@.transactions == transactions_of(in_index_order(self@.pool))
                && block@.transactions.len() == self@.pool.len() && block@.prev_block_id == tip(
                self@.chain,
            )),
    {
        proof {
            self.mempool.lemma_slots_in_index_order();
        }
        if let Some(transactions) = self.mempool.get_all_transactions() {
            let prev_block_id = self.chain.tip_id();
            return Some(Block::new(transactions, prev_block_id));
        }
        None
    }

    /// Finalize a Block by appending it to the Chain and removing the Transactions from the Mempool.
    pub fn finalize_block(&mut self, block: Block)
        requires
            old(self).wf(),
        ensures
            final(self).wf(),
            final(self)@ == finalized(old(self)@, block@),
            final(self)@.chain.len() == old(self)@.chain.len() + 1,
            (block@.prev_block_id == tip(old(self)@.chain) && block@.intact())
                ==> final(self)@.chain.last() == block@,
            block@.transactions == transactions_of(in_index_order(old(self)@.pool))
                ==> final(self)@.pool == Map::<Seq<u8>, TransactionView>::empty(),
    {
        proof {
            self.mempool.lemma_slots_in_index_order();
            lemma_pool_covered(self@.pool, tip(self@.chain));
            lemma_rebound_empty(Some(relinked(block@, tip(self@.chain)).id));
        }
        // Get Transaction indexes of Transactions included in the Block.
        let tx_indexes = self.indexes(block.transactions());

        // Append the Block to the Chain.
        self.chain.append(block);

        // Remove all Transactions included in the Block from the Mempool.
        self.mempool.remove_transactions(tx_indexes);

        // Repopulate Mempool (if necessary).
        self.rebind();
    }

    /// The indexes under which the Mempool holds the given Transactions.
    fn indexes(&self, transactions: &Vec<Transaction>) -> (tx_indexes: Vec<Keccak256>)
        ensures
            index_set(tx_indexes@) == indexes_of(tx_views(transactions@), tip(self@.chain)),
    {
        let ghost views = tx_views(transactions@);
        let ghost tip = tip(self@.chain);
        let mut tx_indexes: Vec<Keccak256> = Vec::new();
        let mut i: usize = 0;
        while i < transactions.len()
            invariant
                i <= transactions.len(),
                views == tx_views(transactions@),
                tip == crate::chain::tip(self@.chain),
                tx_indexes@.len() == i,
                forall|j: int|
                    0 <= j < i ==> (#[trigger] tx_indexes@[j])@ == transaction_index(
                        views[j].id,
                        tip,
                    ),
            decreases transactions.len() - i,
        {
            let index = self.generate_transaction_index(&transactions[i]);
            tx_indexes.push(index);
            i += 1;
        }
        proof {
            let gone = indexes_of(views, tip);
            assert forall|k: Seq<u8>| #[trigger]
                index_set(tx_indexes@).contains(k) implies gone.contains(k) by {
                let j = choose|j: int|
                    0 <= j < tx_indexes@.len() && (#[trigger] tx_indexes@[j])@ == k;
            }
            assert forall|k: Seq<u8>| #[trigger] gone.contains(k) implies index_set(
                tx_indexes@,
            ).contains(k) by {
                let j = choose|j: int|
                    0 <= j < views.len() && transaction_index((#[trigger] views[j]).id, tip) == k;
                assert(tx_indexes@[j]@ == k);
            }
        }
        tx_indexes
    }

    /// Moves every Transaction of the Mempool to the index that binds it to
    /// the tip of the Chain.
    fn rebind(&mut self)
        requires
            old(self).chain.wf(),
            old(self).mempool.wf(),
        ensures
            final(self).wf(),
            final(self)@.chain == old(self)@.chain,
            final(self)@.nonce == old(self)@.nonce,
            final(self)@.pool == rebound(old(self)@.pool, tip(old(self)@.chain)),
    {
        let ghost start = self@;
        let ghost tip = tip(start.chain);
        proof {
            self.mempool.lemma_slots_in_index_order();
            lemma_rebound_bound(start.pool, tip);
        }
        if let Some(transactions) = self.mempool.get_all_transactions() {
            self.mempool.clear();
            let ghost views = tx_views(transactions@);
            for transaction in it: transactions
                invariant
                    it.seq() == transactions@,
                    views == tx_views(transactions@),
                    self.chain.wf(),
                    self.mempool.wf(),
                    self@.chain == start.chain,
                    self@.nonce == start.nonce,
                    tip == crate::chain::tip(start.chain),
                    self@.pool == with_transactions(
                        Map::empty(),
                        views.take(it.index() as int),
                        tip,
                    ),
            {
                proof {
                    let longer = views.take(it.index() + 1);
                    assert(longer.drop_last() =~= views.take(it.index() as int));
                }
                let index = self.generate_transaction_index(&transaction);
                self.mempool.insert(index, transaction);
            }
            assert(views.take(transactions@.len() as int) =~= views);
        } else {
            assert(transactions_of(in_index_order(start.pool)) =~= Seq::<
                TransactionView,
            >::empty());
        }
    }

    /// Creates the index used as a Mempool key.
    pub fn generate_transaction_index(&self, transaction: &Transaction) -> (index: Keccak256)
        ensures
            index@ == transaction_index(transaction@.id, tip(self@.chain)),
            index@.len() == DIGEST_LEN,
    {
        let block_id = self.chain.tip_id();
        let mut data: Vec<u8> = Vec::new();
        put_bytes(&mut data, transaction.id());
        put_opt(&mut data, block_id.as_ref());
        hash(&data)
    }

    /// The Chain.
    pub fn chain(&self) -> (chain: &Chain)
        ensures
            chain@ == self@.chain,
            self.wf() ==> chain.wf(),
    {
        &self.chain
    }

    /// The Mempool.
    pub fn mempool(&self) -> (mempool: &Mempool)
        ensures
            mempool@ == self@.pool,
            self.wf() ==> mempool.wf(),
    {
        &self.mempool
    }

    /// The nonce that the next Transaction created by the Node gets.
    pub fn nonce(&self) -> (nonce: u64)
        ensures
            nonce == self@.nonce,
    {
        self.nonce
    }
}

} // verus!
